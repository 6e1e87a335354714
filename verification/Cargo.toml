[package]
name = "rondo"
version = "0.1.0"
edition = "2021"
publish = false

[dependencies]
serde = { version = "*", features = ["derive"] }
serde_json = "*"
memmap2 = "*"
prost = "*"
snap = "*"
