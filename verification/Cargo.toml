[package]
name = "advent2018"
version = "0.1.0"
edition = "2021"
publish = false

[dependencies]
regex = "1"
reqwest = { version = "*", features = ["blocking"] }
indicatif = "*"
console = "*"
