[package]
name = "intertense"
version = "0.1.0"
edition = "2021"
publish = false

[dependencies]
b-k-tree = "*"
burn = { version = "*", default-features = false }
dashmap = "*"
image = { version = "*", default-features = false }
ndarray = "*"
serde = { version = "1", features = ["derive"] }
umya-spreadsheet = "*"

[dev-dependencies]
rand = "*"
