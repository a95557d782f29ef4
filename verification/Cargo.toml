[package]
name = "runome"
version = "0.1.0"
edition = "2021"
publish = false

[dependencies]
bincode = "=1.3.3"
memmap2 = "=0.9.12"
serde = { version = "=1.0.229", features = ["derive"] }
smallvec = "=1.16.4"
