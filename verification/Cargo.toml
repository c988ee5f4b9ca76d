[package]
name = "catch"
version = "0.1.0"
edition = "2021"
publish = false

[dependencies]
calcbits = "*"
socket2 = "*"
tokio = { version = "*", features = ["macros", "rt-multi-thread"] }
