[package]
name = "gridstore_coalesce"
version = "0.1.0"
edition = "2021"
publish = false

[dependencies]
morton = "*"
serde = { version = "*", features = ["derive"] }
serde_json = "*"
