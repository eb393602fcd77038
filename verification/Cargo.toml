[package]
name = "highway_core"
version = "0.1.0"
edition = "2021"
publish = false

[dependencies]
anyhow = "1"
derive_more = { version = "2", features = ["add", "add_assign", "deref", "sum"] }
displaydoc = "0.2"
serde = { version = "1", features = ["derive"] }
thiserror = "2"
