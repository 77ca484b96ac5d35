[package]
name = "burner_list"
version = "0.1.0"
edition = "2021"
publish = false

[dependencies]
slab = "*"
im = "*"
uuid = { version = "*", features = ["v4", "serde"] }
serde = { version = "*", features = ["derive"] }
serde_json = "*"
