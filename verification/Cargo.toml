[package]
name = "oxiwhisper"
version = "0.1.2"
edition = "2021"
publish = false

[dependencies]
half = "2.7"
memmap2 = "0.9"
oxifft = "*"
rand = "*"
serde = { version = "1", features = ["derive"] }
