[package]
name = "esperto"
version = "0.1.0"
edition = "2021"
publish = false

[dependencies]
frozen-collections = "*"
frozen-collections-core = "*"
proc-macro2 = "1"
quote = "1"
serde = { version = "1", features = ["derive"] }
syn = { version = "2", features = ["full", "parsing", "printing"] }
tinyset = "*"
