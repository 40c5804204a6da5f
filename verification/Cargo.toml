[package]
name = "bisector"
version = "0.1.0"
edition = "2021"
publish = false

[dependencies]
meval = "*"
serde = { version = "*", features = ["derive"] }
actix-web = "*"
