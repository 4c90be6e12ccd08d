[package]
name = "cell_tower"
version = "0.1.0"
edition = "2021"
publish = false

[dependencies]
smallvec = "1"
colored = "2"
isahc = { version = "1", features = ["json"] }
serde = { version = "1", features = ["derive"] }
serde_json = "1"
