[package]
name = "ferrite"
version = "0.1.0"
edition = "2021"
publish = false

[dependencies]
fastrand = "2"
axum = { version = "0.8", default-features = false, features = ["json"] }
image = { version = "0.25", default-features = false, features = ["png", "jpeg"] }
reqwest = { version = "0.12", default-features = false, features = ["blocking"] }
